use animator::ids::{InstantaneousInterpOptions, TemporalInterpId, TemporalInterpOptions, TemporalInterpType};
use animator::kinds::{
    transition_easing, Align, AlignOptions, BoundaryMode, InOrOut, InterpType, MorphInterpType,
    ShapeInterpType, TransitionEasing,
};
use animator::timeline::{ConstantTimeline, ImmediateInterp};

#[test]
fn defaults() {
    assert_eq!(InterpType::default(), InterpType::Exp);
    assert_eq!(MorphInterpType::default(), MorphInterpType::Exp);
    assert!(ShapeInterpType::default() == ShapeInterpType::Writing);
    let o = TemporalInterpOptions::default();
    assert!(o.interp_from_id.is_none() && o.interp_to_id.is_none());
    assert!(o.interp_from_type.is_none() && o.interp_to_type.is_none());
    let t = TemporalInterpId::default();
    assert!(t.from.is_none() && t.to.is_none());
    let ty: TemporalInterpType<MorphInterpType> = TemporalInterpType::default();
    assert!(ty.from.is_none() && ty.to.is_none());
    let inst: InstantaneousInterpOptions<MorphInterpType> = InstantaneousInterpOptions::default();
    assert!(inst.interp_in_type.is_none() && inst.interp_out_type.is_none());
    let _ = BoundaryMode::Middle;
}

#[test]
fn temporal_options_builders() {
    let mut o = TemporalInterpOptions::default();
    o.interp_from_id(3).interp_to_type(InterpType::Linear);
    let from = o.interp_from_id.as_ref().unwrap();
    assert_eq!(from.id, 3);
    assert!(from.draw_order_idx.is_empty());
    assert!(o.interp_to_id.is_none());
    assert_eq!(o.interp_to_type, Some(InterpType::Linear));
    assert_eq!(o.interp_from_type, None);
    o.interp_id(8).interp_from_type(InterpType::Exp);
    assert_eq!(o.interp_from_id.as_ref().unwrap().id, 8);
    assert_eq!(o.interp_to_id.as_ref().unwrap().id, 8);
    assert_eq!(o.interp_from_type, Some(InterpType::Exp));
    o.interp_to_id(9);
    assert_eq!(o.interp_from_id.as_ref().unwrap().id, 8);
    assert_eq!(o.interp_to_id.as_ref().unwrap().id, 9);
    let ids = o.ids();
    assert_eq!(ids.from.unwrap().id, 8);
    assert_eq!(ids.to.unwrap().id, 9);
}

#[test]
fn instantaneous_select() {
    let o = InstantaneousInterpOptions {
        interp_in_type: Some(MorphInterpType::Linear),
        interp_out_type: None,
    };
    assert_eq!(o.select(InOrOut::In), Some(MorphInterpType::Linear));
    let o = InstantaneousInterpOptions {
        interp_in_type: Some(MorphInterpType::Linear),
        interp_out_type: None,
    };
    assert_eq!(o.select(InOrOut::Out), None);
}

#[test]
fn temporal_type_to_instantaneous() {
    let t = TemporalInterpType {
        from: Some(MorphInterpType::Linear),
        to: Some(MorphInterpType::Exp),
    };
    let i = t.into_instantaneous();
    assert_eq!(i.interp_in_type, Some(MorphInterpType::Linear));
    assert_eq!(i.interp_out_type, Some(MorphInterpType::Exp));
}

fn easing(o: Option<InterpType>, i: Option<InterpType>) -> String {
    match transition_easing(o, i, InterpType::Exp) {
        TransitionEasing::Single(t) => format!("single {:?}", t),
        TransitionEasing::Blend(a, b) => format!("blend {:?} {:?}", a, b),
    }
}

#[test]
fn transition_easing_rules() {
    assert_eq!(easing(None, None), "single Exp");
    assert_eq!(easing(Some(InterpType::Linear), None), "single Linear");
    assert_eq!(easing(None, Some(InterpType::Linear)), "single Linear");
    assert_eq!(
        easing(Some(InterpType::Linear), Some(InterpType::Exp)),
        "blend Linear Exp"
    );
}

#[test]
fn align_anchors() {
    assert_eq!(Align::TopLeft.anchor_halves(), (0, 0));
    assert_eq!(Align::TopCenter.anchor_halves(), (1, 0));
    assert_eq!(Align::TopRight.anchor_halves(), (2, 0));
    assert_eq!(Align::CenterLeft.anchor_halves(), (0, 1));
    assert_eq!(Align::Center.anchor_halves(), (1, 1));
    assert_eq!(Align::CenterRight.anchor_halves(), (2, 1));
    assert_eq!(Align::BottomLeft.anchor_halves(), (0, 2));
    assert_eq!(Align::BottomCenter.anchor_halves(), (1, 2));
    assert_eq!(Align::BottomRight.anchor_halves(), (2, 2));
    assert_eq!(AlignOptions::BottomCenter.anchor_halves(), (1, 2));
    assert_eq!(AlignOptions::CenterRight.anchor_halves(), (2, 1));
}

#[test]
fn constant_timeline_value() {
    let t = ConstantTimeline::new(42u32);
    assert_eq!(*t.at_any_time(), 42);
}

#[test]
fn immediate_interp_jumps() {
    let i = ImmediateInterp {};
    assert_eq!(i.select(1, 2, true), 1);
    assert_eq!(i.select(1, 2, false), 2);
}
