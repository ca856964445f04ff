use vstd::prelude::*;

use crate::kinds::{InOrOut, InterpType};

verus! {

/// The abstract value of an interpolation ID: the user's number and the path of
/// positions through nested draw groups.
pub type IdView = (i64, Seq<usize>);

/// An ID associated with temporal elements, used to match elements up between slides.
#[derive(Debug, Clone)]
pub struct InterpId {
    pub id: i64,
    /// Positions of the element in its nested draw groups, outermost first.
    pub draw_order_idx: Vec<usize>,
}

impl View for InterpId {
    type V = IdView;

    open spec fn view(&self) -> IdView {
        (self.id, self.draw_order_idx@)
    }
}

/// The abstract value of an optional ID.
pub open spec fn opt_id_view(o: Option<InterpId>) -> Option<IdView> {
    match o {
        Some(x) => Some(x@),
        None => None,
    }
}

/// Two optional IDs identify the same element when both are present and equal.
pub open spec fn ids_link(a: Option<IdView>, b: Option<IdView>) -> bool {
    a is Some && b is Some && a == b
}

impl InterpId {
    /// A top-level ID: the user's number with an empty draw-order path.
    pub fn new(id: i64) -> (r: InterpId)
        ensures
            r@ == (id, Seq::<usize>::empty()),
    {
        InterpId { id, draw_order_idx: Vec::new() }
    }

    /// Whether the two IDs are equal (same number and same draw-order path).
    pub fn same_as(&self, other: &InterpId) -> (r: bool)
        ensures
            r == (self@ == other@),
    {
        if self.id != other.id {
            return false;
        }
        let n = self.draw_order_idx.len();
        if n != other.draw_order_idx.len() {
            return false;
        }
        let mut i: usize = 0;
        while i < n
            invariant
                n == self.draw_order_idx@.len(),
                n == other.draw_order_idx@.len(),
                0 <= i <= n,
                forall|k: int| 0 <= k < i ==> self.draw_order_idx@[k] == other.draw_order_idx@[k],
            decreases n - i,
        {
            if self.draw_order_idx[i] != other.draw_order_idx[i] {
                return false;
            }
            i = i + 1;
        }
        assert(self.draw_order_idx@ =~= other.draw_order_idx@);
        true
    }

    /// A copy of the ID.
    pub fn duplicate(&self) -> (r: InterpId)
        ensures
            r@ == self@,
    {
        let mut path: Vec<usize> = Vec::new();
        let n = self.draw_order_idx.len();
        let mut i: usize = 0;
        while i < n
            invariant
                n == self.draw_order_idx@.len(),
                0 <= i <= n,
                path@ == self.draw_order_idx@.subrange(0, i as int),
            decreases n - i,
        {
            path.push(self.draw_order_idx[i]);
            i = i + 1;
            assert(path@ =~= self.draw_order_idx@.subrange(0, i as int));
        }
        assert(path@ =~= self.draw_order_idx@);
        InterpId { id: self.id, draw_order_idx: path }
    }
}

/// A copy of an optional ID.
pub fn duplicate_opt_id(o: &Option<InterpId>) -> (r: Option<InterpId>)
    ensures
        opt_id_view(r) == opt_id_view(*o),
{
    match o {
        Some(x) => Some(x.duplicate()),
        None => None,
    }
}

/// Whether two optional IDs identify the same element: both present and equal.
pub fn opt_ids_link(a: &Option<InterpId>, b: &Option<InterpId>) -> (r: bool)
    ensures
        r == ids_link(opt_id_view(*a), opt_id_view(*b)),
{
    match (a, b) {
        (Some(x), Some(y)) => x.same_as(y),
        _ => false,
    }
}

/// The IDs of a temporal element: `from` is matched against the previous slide,
/// `to` against the next one.
#[derive(Debug, Clone)]
pub struct TemporalInterpId {
    pub from: Option<InterpId>,
    pub to: Option<InterpId>,
}

/// The abstract value of a pair of IDs, `(from, to)`.
pub type PairView = (Option<IdView>, Option<IdView>);

impl View for TemporalInterpId {
    type V = PairView;

    open spec fn view(&self) -> PairView {
        (opt_id_view(self.from), opt_id_view(self.to))
    }
}

impl Default for TemporalInterpId {
    fn default() -> (r: Self)
        ensures
            r.from is None,
            r.to is None,
    {
        TemporalInterpId { from: None, to: None }
    }
}

/// The easings a temporal element asks for when it is interpolated from the previous
/// slide (`from`) and to the next slide (`to`).
#[derive(Debug, Clone, Copy)]
pub struct TemporalInterpType<T> {
    pub from: Option<T>,
    pub to: Option<T>,
}

impl<T> Default for TemporalInterpType<T> {
    fn default() -> (r: Self)
        ensures
            r.from is None,
            r.to is None,
    {
        TemporalInterpType { from: None, to: None }
    }
}

impl<T> TemporalInterpType<T> {
    /// The options of the element frozen at one instant: it fades in as it came
    /// from the previous slide and fades out as it goes to the next one.
    pub fn into_instantaneous(self) -> (r: InstantaneousInterpOptions<T>)
        ensures
            r.interp_in_type == self.from,
            r.interp_out_type == self.to,
    {
        InstantaneousInterpOptions { interp_in_type: self.from, interp_out_type: self.to }
    }
}

/// The easings an element that exists for a single instant uses to fade in and out.
#[derive(Debug, Clone, Copy)]
pub struct InstantaneousInterpOptions<T> {
    pub interp_in_type: Option<T>,
    pub interp_out_type: Option<T>,
}

impl<T> Default for InstantaneousInterpOptions<T> {
    fn default() -> (r: Self)
        ensures
            r.interp_in_type is None,
            r.interp_out_type is None,
    {
        InstantaneousInterpOptions { interp_in_type: None, interp_out_type: None }
    }
}

impl<T> InstantaneousInterpOptions<T> {
    /// The easing for fading in or for fading out.
    pub fn select(self, in_or_out: InOrOut) -> (r: Option<T>)
        ensures
            in_or_out == InOrOut::In ==> r == self.interp_in_type,
            in_or_out == InOrOut::Out ==> r == self.interp_out_type,
    {
        match in_or_out {
            InOrOut::In => self.interp_in_type,
            InOrOut::Out => self.interp_out_type,
        }
    }
}

/// How an object on a slide is interpolated from the previous slide and to the next.
///
/// The IDs are matched against objects on the adjacent slides; the types choose the
/// easing (see `transition_easing`).
#[derive(Debug, Clone)]
pub struct TemporalInterpOptions {
    pub interp_from_id: Option<InterpId>,
    pub interp_to_id: Option<InterpId>,
    pub interp_from_type: Option<InterpType>,
    pub interp_to_type: Option<InterpType>,
}

impl Default for TemporalInterpOptions {
    fn default() -> (r: Self)
        ensures
            r.interp_from_id is None,
            r.interp_to_id is None,
            r.interp_from_type is None,
            r.interp_to_type is None,
    {
        TemporalInterpOptions {
            interp_from_id: None,
            interp_to_id: None,
            interp_from_type: None,
            interp_to_type: None,
        }
    }
}

impl TemporalInterpOptions {
    /// Matches this object against the object with ID `id` on the previous slide.
    pub fn interp_from_id(&mut self, id: i64) -> (r: &mut Self)
        ensures
            opt_id_view(r.interp_from_id) == Some((id, Seq::<usize>::empty())),
            opt_id_view(r.interp_to_id) == opt_id_view(old(self).interp_to_id),
            r.interp_from_type == old(self).interp_from_type,
            r.interp_to_type == old(self).interp_to_type,
            *final(self) == *final(r),
    {
        self.interp_from_id = Some(InterpId::new(id));
        self
    }

    /// Matches this object against the object with ID `id` on the next slide.
    pub fn interp_to_id(&mut self, id: i64) -> (r: &mut Self)
        ensures
            opt_id_view(r.interp_to_id) == Some((id, Seq::<usize>::empty())),
            opt_id_view(r.interp_from_id) == opt_id_view(old(self).interp_from_id),
            r.interp_from_type == old(self).interp_from_type,
            r.interp_to_type == old(self).interp_to_type,
            *final(self) == *final(r),
    {
        self.interp_to_id = Some(InterpId::new(id));
        self
    }

    /// Matches this object against the objects with ID `id` on both adjacent slides.
    pub fn interp_id(&mut self, id: i64) -> (r: &mut Self)
        ensures
            opt_id_view(r.interp_from_id) == Some((id, Seq::<usize>::empty())),
            opt_id_view(r.interp_to_id) == Some((id, Seq::<usize>::empty())),
            r.interp_from_type == old(self).interp_from_type,
            r.interp_to_type == old(self).interp_to_type,
            *final(self) == *final(r),
    {
        self.interp_from_id(id);
        self.interp_to_id(id);
        self
    }

    /// The easing to use coming from the previous slide.
    pub fn interp_from_type(&mut self, interp_type: InterpType) -> (r: &mut Self)
        ensures
            r.interp_from_type == Some(interp_type),
            r.interp_to_type == old(self).interp_to_type,
            opt_id_view(r.interp_from_id) == opt_id_view(old(self).interp_from_id),
            opt_id_view(r.interp_to_id) == opt_id_view(old(self).interp_to_id),
            *final(self) == *final(r),
    {
        self.interp_from_type = Some(interp_type);
        self
    }

    /// The easing to use going to the next slide.
    pub fn interp_to_type(&mut self, interp_type: InterpType) -> (r: &mut Self)
        ensures
            r.interp_to_type == Some(interp_type),
            r.interp_from_type == old(self).interp_from_type,
            opt_id_view(r.interp_from_id) == opt_id_view(old(self).interp_from_id),
            opt_id_view(r.interp_to_id) == opt_id_view(old(self).interp_to_id),
            *final(self) == *final(r),
    {
        self.interp_to_type = Some(interp_type);
        self
    }

    /// The IDs of the object, as matched between slides.
    pub fn ids(&self) -> (r: TemporalInterpId)
        ensures
            r@ == (opt_id_view(self.interp_from_id), opt_id_view(self.interp_to_id)),
    {
        TemporalInterpId {
            from: duplicate_opt_id(&self.interp_from_id),
            to: duplicate_opt_id(&self.interp_to_id),
        }
    }
}

} // verus!
