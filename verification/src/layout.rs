use vstd::prelude::*;

verus! {

/// What a state of the slideshow is: a slide, or a gap between slides.
#[derive(Debug, Clone, Copy, PartialEq, Eq, Structural)]
pub enum StateKind {
    Slide,
    Interp,
}

/// An entry of the normalized sequence of states: one of the states as given (by its
/// position), or a default gap inserted between two consecutive slides.
#[derive(Debug, Clone, Copy, PartialEq, Eq)]
pub enum LayoutEntry {
    Given(usize),
    InsertedInterp,
}

/// Why a sequence of states cannot be made into a slideshow.
#[derive(Debug, Clone, Copy, PartialEq, Eq)]
pub enum LayoutError {
    /// Two gaps follow each other.
    AdjacentInterps,
    /// The slideshow starts with a gap.
    StartsWithInterp,
    /// The slideshow ends with a gap.
    EndsWithInterp,
}

/// States `i` and `i + 1` are both gaps.
pub open spec fn interp_pair(kinds: Seq<StateKind>, i: int) -> bool {
    0 <= i && i + 1 < kinds.len() && kinds[i] == StateKind::Interp && kinds[i + 1]
        == StateKind::Interp
}

pub open spec fn has_adjacent_interps(kinds: Seq<StateKind>) -> bool {
    exists|i: int| #[trigger] interp_pair(kinds, i)
}

/// The normalized layout of the first `k` states: each given state in order, with a
/// default gap inserted between every two consecutive slides.
pub open spec fn layout_prefix(kinds: Seq<StateKind>, k: int) -> Seq<LayoutEntry>
    decreases k,
{
    if k <= 0 {
        Seq::empty()
    } else {
        let gap = if k >= 2 && kinds[k - 2] == StateKind::Slide && kinds[k - 1] == StateKind::Slide {
            seq![LayoutEntry::InsertedInterp]
        } else {
            Seq::empty()
        };
        layout_prefix(kinds, k - 1) + gap + seq![LayoutEntry::Given((k - 1) as usize)]
    }
}

/// What `plan_layout` returns for the given kinds of states.
pub open spec fn plan_layout_spec(kinds: Seq<StateKind>) -> Result<Seq<LayoutEntry>, LayoutError> {
    if kinds.len() == 0 {
        Ok(Seq::empty())
    } else if has_adjacent_interps(kinds) {
        Err(LayoutError::AdjacentInterps)
    } else if kinds[0] == StateKind::Interp {
        Err(LayoutError::StartsWithInterp)
    } else if kinds.last() == StateKind::Interp {
        Err(LayoutError::EndsWithInterp)
    } else {
        Ok(layout_prefix(kinds, kinds.len() as int))
    }
}

/// Normalizes the states of a slideshow so that slides and gaps alternate, starting
/// and ending with a slide: a default gap is inserted between consecutive slides.
/// Fails when two gaps are adjacent, or the states start or end with a gap (checked
/// in that order). No states give an empty layout.
pub fn plan_layout(kinds: &Vec<StateKind>) -> (r: Result<Vec<LayoutEntry>, LayoutError>)
    ensures
        match plan_layout_spec(kinds@) {
            Ok(l) => r matches Ok(v) && v@ == l,
            Err(e) => r == Err::<Vec<LayoutEntry>, LayoutError>(e),
        },
{
    let n = kinds.len();
    if n == 0 {
        return Ok(Vec::new());
    }
    let mut i: usize = 0;
    while i + 1 < n
        invariant
            n == kinds@.len(),
            n >= 1,
            0 <= i < n,
            forall|j: int| 0 <= j < i ==> !#[trigger] interp_pair(kinds@, j),
        decreases n - i,
    {
        if kinds[i] == StateKind::Interp && kinds[i + 1] == StateKind::Interp {
            assert(interp_pair(kinds@, i as int));
            return Err(LayoutError::AdjacentInterps);
        }
        i = i + 1;
    }
    assert forall|j: int| !#[trigger] interp_pair(kinds@, j) by {
        if 0 <= j < i {
        }
    }
    assert(!has_adjacent_interps(kinds@));
    if kinds[0] == StateKind::Interp {
        return Err(LayoutError::StartsWithInterp);
    }
    if kinds[n - 1] == StateKind::Interp {
        return Err(LayoutError::EndsWithInterp);
    }
    let mut out: Vec<LayoutEntry> = Vec::new();
    let mut k: usize = 0;
    while k < n
        invariant
            n == kinds@.len(),
            0 <= k <= n,
            out@ == layout_prefix(kinds@, k as int),
        decreases n - k,
    {
        if k >= 1 && kinds[k - 1] == StateKind::Slide && kinds[k] == StateKind::Slide {
            out.push(LayoutEntry::InsertedInterp);
        }
        out.push(LayoutEntry::Given(k));
        k = k + 1;
        assert(out@ =~= layout_prefix(kinds@, k as int));
    }
    Ok(out)
}

/// The kind of state an entry of the layout stands for.
pub open spec fn entry_kind(kinds: Seq<StateKind>, e: LayoutEntry) -> StateKind {
    match e {
        LayoutEntry::Given(i) => kinds[i as int],
        LayoutEntry::InsertedInterp => StateKind::Interp,
    }
}

/// The given states that a layout keeps, in order.
pub open spec fn given_of(l: Seq<LayoutEntry>) -> Seq<usize>
    decreases l.len(),
{
    if l.len() == 0 {
        Seq::empty()
    } else {
        given_of(l.drop_last()) + match l.last() {
            LayoutEntry::Given(i) => seq![i],
            LayoutEntry::InsertedInterp => Seq::empty(),
        }
    }
}

proof fn lemma_given_of_concat(a: Seq<LayoutEntry>, b: Seq<LayoutEntry>)
    ensures
        given_of(a + b) == given_of(a) + given_of(b),
    decreases b.len(),
{
    if b.len() == 0 {
        assert(a + b =~= a);
        assert(given_of(a) + given_of(b) =~= given_of(a));
    } else {
        lemma_given_of_concat(a, b.drop_last());
        assert((a + b).drop_last() =~= a + b.drop_last());
        assert(given_of(a) + given_of(b) =~= given_of(a) + given_of(b.drop_last()) + match b.last() {
            LayoutEntry::Given(i) => seq![i],
            LayoutEntry::InsertedInterp => Seq::empty(),
        });
    }
}

proof fn lemma_given_of_single(e: LayoutEntry)
    ensures
        given_of(seq![e]) == match e {
            LayoutEntry::Given(i) => seq![i],
            LayoutEntry::InsertedInterp => Seq::<usize>::empty(),
        },
{
    let s = seq![e];
    assert(s.drop_last() =~= Seq::<LayoutEntry>::empty());
    assert(s.last() == e);
    assert(given_of(Seq::<LayoutEntry>::empty()) == Seq::<usize>::empty());
    assert(given_of(s) =~= given_of(s.drop_last()) + match e {
        LayoutEntry::Given(i) => seq![i],
        LayoutEntry::InsertedInterp => Seq::<usize>::empty(),
    });
}

/// The gap (if any) and the given state that `layout_prefix` adds for state `k - 1`.
pub open spec fn layout_tail(kinds: Seq<StateKind>, k: int) -> Seq<LayoutEntry> {
    let gap = if k >= 2 && kinds[k - 2] == StateKind::Slide && kinds[k - 1] == StateKind::Slide {
        seq![LayoutEntry::InsertedInterp]
    } else {
        Seq::empty()
    };
    gap + seq![LayoutEntry::Given((k - 1) as usize)]
}

proof fn lemma_layout_given(kinds: Seq<StateKind>, k: int)
    requires
        0 <= k <= kinds.len(),
        kinds.len() <= usize::MAX,
    ensures
        given_of(layout_prefix(kinds, k)) == Seq::new(k as nat, |i: int| i as usize),
    decreases k,
{
    if k == 0 {
        assert(given_of(layout_prefix(kinds, 0)) =~= Seq::new(0, |i: int| i as usize));
    } else {
        lemma_layout_given(kinds, k - 1);
        let prev = layout_prefix(kinds, k - 1);
        let tail = layout_tail(kinds, k);
        assert(layout_prefix(kinds, k) =~= prev + tail);
        lemma_given_of_concat(prev, tail);
        let single = seq![LayoutEntry::Given((k - 1) as usize)];
        lemma_given_of_single(LayoutEntry::Given((k - 1) as usize));
        if k >= 2 && kinds[k - 2] == StateKind::Slide && kinds[k - 1] == StateKind::Slide {
            lemma_given_of_concat(seq![LayoutEntry::InsertedInterp], single);
            lemma_given_of_single(LayoutEntry::InsertedInterp);
            assert(given_of(tail) =~= seq![(k - 1) as usize]);
        } else {
            assert(tail =~= single);
        }
        assert(given_of(layout_prefix(kinds, k)) =~= Seq::new(k as nat, |i: int| i as usize));
    }
}

proof fn lemma_layout_kinds(kinds: Seq<StateKind>, k: int)
    requires
        1 <= k <= kinds.len(),
        kinds.len() <= usize::MAX,
        !has_adjacent_interps(kinds),
        kinds[0] == StateKind::Slide,
    ensures
        layout_prefix(kinds, k).len() % 2 == (if kinds[k - 1] == StateKind::Slide {
            1int
        } else {
            0int
        }),
        forall|p: int|
            0 <= p < layout_prefix(kinds, k).len() ==> (entry_kind(
                kinds,
                #[trigger] layout_prefix(kinds, k)[p],
            ) == StateKind::Slide <==> p % 2 == 0),
        forall|p: int|
            0 <= p < layout_prefix(kinds, k).len() ==> (#[trigger] layout_prefix(kinds, k)[p] matches LayoutEntry::Given(
                i,
            ) ==> i < k),
    decreases k,
{
    let l = layout_prefix(kinds, k);
    if k == 1 {
        assert(layout_prefix(kinds, 0) == Seq::<LayoutEntry>::empty());
        assert(l =~= seq![LayoutEntry::Given(0)]);
    } else {
        lemma_layout_kinds(kinds, k - 1);
        let prev = layout_prefix(kinds, k - 1);
        let tail = layout_tail(kinds, k);
        assert(l =~= prev + tail);
        if kinds[k - 2] == StateKind::Interp {
            assert(kinds[k - 1] == StateKind::Slide) by {
                assert(!interp_pair(kinds, k - 2));
            }
        }
        assert forall|p: int| 0 <= p < l.len() implies (entry_kind(kinds, #[trigger] l[p])
            == StateKind::Slide <==> p % 2 == 0) by {
            if p < prev.len() {
                assert(l[p] == prev[p]);
            }
        }
        assert forall|p: int| 0 <= p < l.len() implies (#[trigger] l[p] matches LayoutEntry::Given(
            i,
        ) ==> i < k) by {
            if p < prev.len() {
                assert(l[p] == prev[p]);
            }
        }
    }
}

/// A successful layout alternates slides and gaps, starting and ending with a slide
/// (so it has odd length), and keeps every given state exactly once, in order.
pub proof fn lemma_layout_alternates(kinds: Seq<StateKind>)
    requires
        kinds.len() <= usize::MAX,
        plan_layout_spec(kinds) is Ok,
        kinds.len() > 0,
    ensures
        plan_layout_spec(kinds)->Ok_0.len() % 2 == 1,
        forall|p: int|
            0 <= p < plan_layout_spec(kinds)->Ok_0.len() ==> (entry_kind(
                kinds,
                #[trigger] plan_layout_spec(kinds)->Ok_0[p],
            ) == StateKind::Slide <==> p % 2 == 0),
        given_of(plan_layout_spec(kinds)->Ok_0) == Seq::new(kinds.len(), |i: int| i as usize),
{
    lemma_layout_kinds(kinds, kinds.len() as int);
    lemma_layout_given(kinds, kinds.len() as int);
}

/// The timing options of a slide or of a gap.
#[derive(Debug, Clone, Copy)]
pub struct TimingOptions<T> {
    pub start_at: Option<T>,
    pub end_at: Option<T>,
    pub duration: Option<T>,
}

impl<T> TimingOptions<T> {
    /// No timing given.
    pub fn new() -> (r: Self)
        ensures
            r.start_at is None,
            r.end_at is None,
            r.duration is None,
    {
        TimingOptions { start_at: None, end_at: None, duration: None }
    }

    /// The state starts at time `t`.
    pub fn set_start_at(&mut self, t: T) -> (r: &mut Self)
        ensures
            r.start_at == Some(t),
            r.end_at == old(self).end_at,
            r.duration == old(self).duration,
            *final(self) == *final(r),
    {
        self.start_at = Some(t);
        self
    }

    /// The state ends at time `t`.
    pub fn set_end_at(&mut self, t: T) -> (r: &mut Self)
        ensures
            r.end_at == Some(t),
            r.start_at == old(self).start_at,
            r.duration == old(self).duration,
            *final(self) == *final(r),
    {
        self.end_at = Some(t);
        self
    }

    /// The state lasts `dt`.
    pub fn set_duration(&mut self, dt: T) -> (r: &mut Self)
        ensures
            r.duration == Some(dt),
            r.start_at == old(self).start_at,
            r.end_at == old(self).end_at,
            *final(self) == *final(r),
    {
        self.duration = Some(dt);
        self
    }
}

/// How the end of a state is found.
#[derive(Debug, Clone, Copy)]
pub enum TimingStep<T> {
    /// The state ends at this absolute time.
    EndsAt(T),
    /// The state lasts this long.
    Lasts(T),
    /// Nothing was given: the state lasts the default length.
    DefaultLength,
}

/// Why the timing of a state cannot be resolved.
#[derive(Debug, Clone, Copy, PartialEq, Eq)]
pub enum TimingError {
    /// The first state was given a start time.
    FirstStateHasStart,
    /// More than one of: this state's end, its duration, the next state's start.
    Overspecified,
}

/// What `timing_step` returns.
pub open spec fn timing_step_spec<T>(
    is_first: bool,
    has_start: bool,
    end_at: Option<T>,
    duration: Option<T>,
    next_start_at: Option<T>,
) -> Result<TimingStep<T>, TimingError> {
    if is_first && has_start {
        Err(TimingError::FirstStateHasStart)
    } else {
        match (end_at, duration, next_start_at) {
            (Some(t), None, None) => Ok(TimingStep::EndsAt(t)),
            (None, None, Some(t)) => Ok(TimingStep::EndsAt(t)),
            (None, Some(dt), None) => Ok(TimingStep::Lasts(dt)),
            (None, None, None) => Ok(TimingStep::DefaultLength),
            _ => Err(TimingError::Overspecified),
        }
    }
}

/// How many of a state's end, its duration and the next state's start are given.
pub open spec fn given_count<T>(end_at: Option<T>, duration: Option<T>, next_start_at: Option<T>) -> nat {
    (if end_at is Some { 1nat } else { 0nat }) + (if duration is Some { 1nat } else { 0nat }) + (
    if next_start_at is Some {
        1nat
    } else {
        0nat
    })
}

/// The timing rules. Only the first state is refused a start time; apart from
/// that the position of a state plays no part. A state with only an end time, or
/// followed by a state with only a start time, ends there; a state with only a
/// duration lasts that long (the first state too); a state with none of the three
/// lasts the default length; two or more of them are refused.
pub proof fn lemma_timing_rules<T>(
    is_first: bool,
    has_start: bool,
    end_at: Option<T>,
    duration: Option<T>,
    next_start_at: Option<T>,
)
    ensures
        is_first && has_start ==> timing_step_spec(is_first, has_start, end_at, duration, next_start_at)
            == Err::<TimingStep<T>, TimingError>(TimingError::FirstStateHasStart),
        !has_start ==> timing_step_spec(true, has_start, end_at, duration, next_start_at)
            == timing_step_spec(false, has_start, end_at, duration, next_start_at),
        !(is_first && has_start) ==> {
            let r = timing_step_spec(is_first, has_start, end_at, duration, next_start_at);
            &&& (end_at is Some && duration is None && next_start_at is None) ==> r
                == Ok::<TimingStep<T>, TimingError>(TimingStep::EndsAt(end_at->0))
            &&& (end_at is None && duration is None && next_start_at is Some) ==> r
                == Ok::<TimingStep<T>, TimingError>(TimingStep::EndsAt(next_start_at->0))
            &&& (end_at is None && duration is Some && next_start_at is None) ==> r
                == Ok::<TimingStep<T>, TimingError>(TimingStep::Lasts(duration->0))
            &&& (end_at is None && duration is None && next_start_at is None) ==> r == Ok::<
                TimingStep<T>,
                TimingError,
            >(TimingStep::DefaultLength)
            &&& given_count(end_at, duration, next_start_at) >= 2 ==> r == Err::<
                TimingStep<T>,
                TimingError,
            >(TimingError::Overspecified)
        },
{
}

/// Resolves how a state ends from its own end time, its duration and the next
/// state's start time: at most one of them may be given. The first state may not
/// have a start time.
pub fn timing_step<T>(
    is_first: bool,
    has_start: bool,
    end_at: Option<T>,
    duration: Option<T>,
    next_start_at: Option<T>,
) -> (r: Result<TimingStep<T>, TimingError>)
    ensures
        r == timing_step_spec(is_first, has_start, end_at, duration, next_start_at),
        is_first && has_start ==> r == Err::<TimingStep<T>, TimingError>(
            TimingError::FirstStateHasStart,
        ),
        !(is_first && has_start) ==> {
            &&& (end_at is Some && duration is None && next_start_at is None) ==> r
                == Ok::<TimingStep<T>, TimingError>(TimingStep::EndsAt(end_at->0))
            &&& (end_at is None && duration is None && next_start_at is Some) ==> r
                == Ok::<TimingStep<T>, TimingError>(TimingStep::EndsAt(next_start_at->0))
            &&& (end_at is None && duration is Some && next_start_at is None) ==> r
                == Ok::<TimingStep<T>, TimingError>(TimingStep::Lasts(duration->0))
            &&& (end_at is None && duration is None && next_start_at is None) ==> r == Ok::<
                TimingStep<T>,
                TimingError,
            >(TimingStep::DefaultLength)
            &&& given_count(end_at, duration, next_start_at) >= 2 ==> r == Err::<
                TimingStep<T>,
                TimingError,
            >(TimingError::Overspecified)
        },
{
    if is_first && has_start {
        return Err(TimingError::FirstStateHasStart);
    }
    match (end_at, duration, next_start_at) {
        (Some(t), None, None) => Ok(TimingStep::EndsAt(t)),
        (None, None, Some(t)) => Ok(TimingStep::EndsAt(t)),
        (None, Some(dt), None) => Ok(TimingStep::Lasts(dt)),
        (None, None, None) => Ok(TimingStep::DefaultLength),
        _ => Err(TimingError::Overspecified),
    }
}

/// Where in a slideshow a state index falls, for a layout that alternates slides
/// and gaps starting with a slide.
#[derive(Debug, Clone, Copy, PartialEq, Eq)]
pub enum StatePosition {
    /// On the slide with this number.
    OnSlide(usize),
    /// In the gap after slide `from`, before slide `to`.
    Between { from: usize, to: usize },
}

/// The slide (or pair of slides) that the state with this index shows: even states
/// are slides, odd states are the gaps between them.
pub fn state_position(state_idx: usize) -> (r: StatePosition)
    ensures
        state_idx % 2 == 0 ==> r == StatePosition::OnSlide(state_idx / 2),
        state_idx % 2 == 1 ==> r == (StatePosition::Between {
            from: (state_idx / 2) as usize,
            to: (state_idx / 2 + 1) as usize,
        }),
{
    if state_idx % 2 == 0 {
        StatePosition::OnSlide(state_idx / 2)
    } else {
        StatePosition::Between { from: (state_idx - 1) / 2, to: state_idx / 2 + 1 }
    }
}

/// The keys are in increasing order (equal neighbours allowed).
pub open spec fn keys_nondecreasing(s: Seq<u64>) -> bool {
    forall|i: int, j: int| 0 <= i <= j < s.len() ==> s[i] <= s[j]
}

/// The state that the key `q` falls in, given the keys of the start of every state
/// and of the end of the last one (keys in the order of time): the `r` with
/// `bounds[r] <= q < bounds[r + 1]`, found by bisection. In increasing bounds there
/// is exactly one such `r`.
pub fn locate_state(bounds: &Vec<u64>, q: u64) -> (r: usize)
    requires
        keys_nondecreasing(bounds@),
        bounds@.len() >= 2,
        bounds@[0] <= q < bounds@.last(),
    ensures
        r + 1 < bounds@.len(),
        bounds@[r as int] <= q < bounds@[r + 1],
        forall|i: int| 0 <= i && i + 1 < bounds@.len() && #[trigger] bounds@[i] <= q < bounds@[i + 1] ==> i == r,
{
    let mut lo: usize = 0;
    let mut hi: usize = bounds.len() - 1;
    while lo + 1 < hi
        invariant
            0 <= lo < hi < bounds@.len(),
            bounds@[lo as int] <= q < bounds@[hi as int],
        decreases hi - lo,
    {
        let mid = lo + (hi - lo) / 2;
        if bounds[mid] <= q {
            lo = mid;
        } else {
            hi = mid;
        }
    }
    assert forall|i: int| 0 <= i && i + 1 < bounds@.len() && #[trigger] bounds@[i] <= q < bounds@[i + 1] implies i == lo by {
        if i < lo {
            assert(bounds@[i + 1] <= bounds@[lo as int]);
        } else if i > lo {
            assert(bounds@[lo + 1] <= bounds@[i]);
        }
    }
    lo
}

/// The number of slides in a layout of `n` states that alternates slides and gaps.
pub fn slide_count(n: usize) -> (r: usize)
    requires
        n % 2 == 1,
    ensures
        r == (n + 1) / 2,
{
    n / 2 + 1
}

} // verus!
