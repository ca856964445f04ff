use vstd::prelude::*;

verus! {

/// Easing applied to an interpolation fraction between slides.
#[derive(Debug, Clone, Copy, PartialEq, Eq)]
pub enum InterpType {
    Linear,
    Exp,
}

impl Default for InterpType {
    fn default() -> (r: Self)
        ensures
            r == InterpType::Exp,
    {
        InterpType::Exp
    }
}

/// Easing used when one shape morphs into another.
#[derive(Debug, Clone, Copy, PartialEq, Eq)]
pub enum MorphInterpType {
    Linear,
    Exp,
}

impl Default for MorphInterpType {
    fn default() -> (r: Self)
        ensures
            r == MorphInterpType::Exp,
    {
        MorphInterpType::Exp
    }
}

/// How a shape appears or disappears: by morphing or by being written out.
#[derive(Debug, Clone, Copy, PartialEq, Eq)]
pub enum ShapeInterpType {
    Morph(MorphInterpType),
    Writing,
}

impl Default for ShapeInterpType {
    fn default() -> (r: Self)
        ensures
            r == ShapeInterpType::Writing,
    {
        ShapeInterpType::Writing
    }
}

/// Where the boundary stroke of a shape is drawn relative to its edge.
#[derive(Debug, Clone, Copy, PartialEq, Eq)]
pub enum BoundaryMode {
    Inner,
    Middle,
    Outer,
}

/// Whether an element is fading in or fading out.
#[derive(Debug, Clone, Copy, PartialEq, Eq)]
pub enum InOrOut {
    In,
    Out,
}

/// The anchor point of a shape within its bounding box.
#[derive(Debug, Clone, Copy, PartialEq, Eq)]
pub enum Align {
    TopLeft,
    TopCenter,
    TopRight,
    CenterLeft,
    Center,
    CenterRight,
    BottomLeft,
    BottomCenter,
    BottomRight,
}

/// The anchor point of a shape within its bounding box, for shape groups: the same
/// nine anchors as `Align`.
#[derive(Debug, Clone, Copy, PartialEq, Eq)]
pub enum AlignOptions {
    TopLeft,
    TopCenter,
    TopRight,
    CenterLeft,
    Center,
    CenterRight,
    BottomLeft,
    BottomCenter,
    BottomRight,
}

/// Horizontal anchor in half widths: 0 is left, 1 is the centre, 2 is right.
pub open spec fn column_of(a: Align) -> u8 {
    match a {
        Align::TopLeft | Align::CenterLeft | Align::BottomLeft => 0,
        Align::TopCenter | Align::Center | Align::BottomCenter => 1,
        Align::TopRight | Align::CenterRight | Align::BottomRight => 2,
    }
}

/// Vertical anchor in half heights: 0 is top, 1 is the centre, 2 is bottom.
pub open spec fn row_of(a: Align) -> u8 {
    match a {
        Align::TopLeft | Align::TopCenter | Align::TopRight => 0,
        Align::CenterLeft | Align::Center | Align::CenterRight => 1,
        Align::BottomLeft | Align::BottomCenter | Align::BottomRight => 2,
    }
}

impl Align {
    /// The anchor as (column, row), each counted in halves of the bounding box:
    /// the fraction of the width is `column / 2`, that of the height `row / 2`.
    pub fn anchor_halves(&self) -> (r: (u8, u8))
        ensures
            r == (column_of(*self), row_of(*self)),
            r.0 <= 2 && r.1 <= 2,
    {
        match self {
            Align::TopLeft => (0, 0),
            Align::TopCenter => (1, 0),
            Align::TopRight => (2, 0),
            Align::CenterLeft => (0, 1),
            Align::Center => (1, 1),
            Align::CenterRight => (2, 1),
            Align::BottomLeft => (0, 2),
            Align::BottomCenter => (1, 2),
            Align::BottomRight => (2, 2),
        }
    }
}

/// The `Align` variant with the same name as an `AlignOptions` variant.
pub open spec fn align_of_options(a: AlignOptions) -> Align {
    match a {
        AlignOptions::TopLeft => Align::TopLeft,
        AlignOptions::TopCenter => Align::TopCenter,
        AlignOptions::TopRight => Align::TopRight,
        AlignOptions::CenterLeft => Align::CenterLeft,
        AlignOptions::Center => Align::Center,
        AlignOptions::CenterRight => Align::CenterRight,
        AlignOptions::BottomLeft => Align::BottomLeft,
        AlignOptions::BottomCenter => Align::BottomCenter,
        AlignOptions::BottomRight => Align::BottomRight,
    }
}

impl AlignOptions {
    /// The same anchor as (column, row) in halves of the bounding box.
    pub fn anchor_halves(&self) -> (r: (u8, u8))
        ensures
            r == (column_of(align_of_options(*self)), row_of(align_of_options(*self))),
    {
        let a = match self {
            AlignOptions::TopLeft => Align::TopLeft,
            AlignOptions::TopCenter => Align::TopCenter,
            AlignOptions::TopRight => Align::TopRight,
            AlignOptions::CenterLeft => Align::CenterLeft,
            AlignOptions::Center => Align::Center,
            AlignOptions::CenterRight => Align::CenterRight,
            AlignOptions::BottomLeft => Align::BottomLeft,
            AlignOptions::BottomCenter => Align::BottomCenter,
            AlignOptions::BottomRight => Align::BottomRight,
        };
        a.anchor_halves()
    }
}

/// The easing of a transition between an element on one slide and its match on the next.
#[derive(Debug, Clone, Copy)]
pub enum TransitionEasing<T> {
    /// One easing is applied to the fraction.
    Single(T),
    /// Both easings are applied and their results are blended by the fraction itself.
    Blend(T, T),
}

/// The easing chosen for a transition from the easing the outgoing element asks for
/// (`out_type`) and the one the incoming element asks for (`in_type`).
pub open spec fn transition_easing_spec<T>(out_type: Option<T>, in_type: Option<T>, fallback: T)
    -> TransitionEasing<T> {
    match (out_type, in_type) {
        (None, None) => TransitionEasing::Single(fallback),
        (None, Some(j)) => TransitionEasing::Single(j),
        (Some(i), None) => TransitionEasing::Single(i),
        (Some(i), Some(j)) => TransitionEasing::Blend(i, j),
    }
}

/// Chooses the easing for a transition: neither side asking gives `fallback`, exactly
/// one side asking gives that side's easing, both asking blends the two.
pub fn transition_easing<T>(out_type: Option<T>, in_type: Option<T>, fallback: T) -> (r:
    TransitionEasing<T>)
    ensures
        r == transition_easing_spec(out_type, in_type, fallback),
{
    match (out_type, in_type) {
        (None, None) => TransitionEasing::Single(fallback),
        (None, Some(j)) => TransitionEasing::Single(j),
        (Some(i), None) => TransitionEasing::Single(i),
        (Some(i), Some(j)) => TransitionEasing::Blend(i, j),
    }
}

/// What happens to an element in the gap between two slides, from whether it is on
/// the slide before (`from`) and on the slide after (`to`).
#[derive(Debug, Clone, Copy, PartialEq, Eq)]
pub enum Transition<T> {
    /// On neither slide: nothing is drawn.
    Absent,
    /// Only on the slide after: it appears.
    FadeIn(T),
    /// Only on the slide before: it disappears.
    FadeOut(T),
    /// On both: one turns into the other.
    Morph(T, T),
}

pub open spec fn transition_spec<T>(from: Option<T>, to: Option<T>) -> Transition<T> {
    match (from, to) {
        (None, None) => Transition::Absent,
        (None, Some(b)) => Transition::FadeIn(b),
        (Some(a), None) => Transition::FadeOut(a),
        (Some(a), Some(b)) => Transition::Morph(a, b),
    }
}

/// The transition of an element between two slides.
pub fn transition<T>(from: Option<T>, to: Option<T>) -> (r: Transition<T>)
    ensures
        r == transition_spec(from, to),
{
    match (from, to) {
        (None, None) => Transition::Absent,
        (None, Some(b)) => Transition::FadeIn(b),
        (Some(a), None) => Transition::FadeOut(a),
        (Some(a), Some(b)) => Transition::Morph(a, b),
    }
}

} // verus!
