use animator::kinds::{transition, Transition};
use animator::layout::{
    plan_layout, slide_count, state_position, timing_step, LayoutEntry, LayoutError, StateKind,
    StatePosition, TimingError, TimingOptions, TimingStep,
};

use LayoutEntry::{Given, InsertedInterp};
use StateKind::{Interp, Slide};

#[test]
fn layout_empty_is_empty() {
    assert_eq!(plan_layout(&vec![]), Ok(vec![]));
}

#[test]
fn layout_inserts_gaps_between_slides() {
    assert_eq!(
        plan_layout(&vec![Slide, Slide, Slide]),
        Ok(vec![Given(0), InsertedInterp, Given(1), InsertedInterp, Given(2)])
    );
}

#[test]
fn layout_keeps_given_gaps() {
    assert_eq!(
        plan_layout(&vec![Slide, Interp, Slide, Slide]),
        Ok(vec![Given(0), Given(1), Given(2), InsertedInterp, Given(3)])
    );
}

#[test]
fn layout_single_slide() {
    assert_eq!(plan_layout(&vec![Slide]), Ok(vec![Given(0)]));
}

#[test]
fn layout_rejects_adjacent_gaps_first() {
    assert_eq!(
        plan_layout(&vec![Interp, Interp, Slide]),
        Err(LayoutError::AdjacentInterps)
    );
}

#[test]
fn layout_rejects_leading_gap() {
    assert_eq!(
        plan_layout(&vec![Interp, Slide]),
        Err(LayoutError::StartsWithInterp)
    );
}

#[test]
fn layout_rejects_trailing_gap() {
    assert_eq!(
        plan_layout(&vec![Slide, Interp]),
        Err(LayoutError::EndsWithInterp)
    );
}

#[test]
fn layout_result_alternates() {
    let kinds = vec![Slide, Slide, Interp, Slide, Slide, Slide];
    let layout = plan_layout(&kinds).unwrap();
    assert_eq!(layout.len() % 2, 1);
    for (p, e) in layout.iter().enumerate() {
        let kind = match e {
            Given(i) => kinds[*i],
            InsertedInterp => Interp,
        };
        assert_eq!(kind == Slide, p % 2 == 0);
    }
    let given: Vec<usize> = layout
        .iter()
        .filter_map(|e| match e {
            Given(i) => Some(*i),
            InsertedInterp => None,
        })
        .collect();
    assert_eq!(given, vec![0, 1, 2, 3, 4, 5]);
}

fn step(
    is_first: bool,
    t: TimingOptions<i32>,
    next_start: Option<i32>,
) -> Result<TimingStep<i32>, TimingError> {
    timing_step(is_first, t.start_at.is_some(), t.end_at, t.duration, next_start)
}

fn describe(r: Result<TimingStep<i32>, TimingError>) -> String {
    match r {
        Ok(TimingStep::EndsAt(t)) => format!("ends at {}", t),
        Ok(TimingStep::Lasts(t)) => format!("lasts {}", t),
        Ok(TimingStep::DefaultLength) => "default".to_string(),
        Err(e) => format!("{:?}", e),
    }
}

#[test]
fn timing_default_length() {
    assert_eq!(describe(step(true, TimingOptions::new(), None)), "default");
}

#[test]
fn timing_end_or_next_start() {
    let mut t = TimingOptions::new();
    t.set_end_at(5);
    assert_eq!(describe(step(false, t, None)), "ends at 5");
    assert_eq!(describe(step(false, TimingOptions::new(), Some(7))), "ends at 7");
}

#[test]
fn timing_duration() {
    let mut t = TimingOptions::new();
    t.set_duration(2);
    assert_eq!(describe(step(false, t, None)), "lasts 2");
}

#[test]
fn timing_overspecified() {
    let mut t = TimingOptions::new();
    t.set_duration(2).set_end_at(3);
    assert_eq!(describe(step(false, t, None)), "Overspecified");
    let mut u = TimingOptions::new();
    u.set_end_at(3);
    assert_eq!(describe(step(false, u, Some(4))), "Overspecified");
}

#[test]
fn timing_first_state_start_rejected() {
    let mut t = TimingOptions::new();
    t.set_start_at(1);
    assert_eq!(describe(step(true, t, None)), "FirstStateHasStart");
    let mut u = TimingOptions::new();
    u.set_start_at(1);
    assert_eq!(describe(step(false, u, None)), "default");
}

#[test]
fn state_positions() {
    assert_eq!(state_position(0), StatePosition::OnSlide(0));
    assert_eq!(state_position(1), StatePosition::Between { from: 0, to: 1 });
    assert_eq!(state_position(4), StatePosition::OnSlide(2));
    assert_eq!(state_position(5), StatePosition::Between { from: 2, to: 3 });
}

#[test]
fn slide_counts() {
    assert_eq!(slide_count(1), 1);
    assert_eq!(slide_count(5), 3);
}

#[test]
fn transitions_between_slides() {
    assert_eq!(transition::<u8>(None, None), Transition::Absent);
    assert_eq!(transition(None, Some(2)), Transition::FadeIn(2));
    assert_eq!(transition(Some(1), None), Transition::FadeOut(1));
    assert_eq!(transition(Some(1), Some(2)), Transition::Morph(1, 2));
}
