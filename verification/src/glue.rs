use vstd::prelude::*;

use crate::ids::{
    duplicate_opt_id, ids_link, opt_id_view, opt_ids_link, IdView, InterpId, PairView,
    TemporalInterpId,
};

verus! {

/// A chain of temporal elements glued together across slides: one entry per slide,
/// `Some(e)` for the `e`-th temporal element of that slide, `None` where the chain
/// has no element on that slide.
pub type Track = Vec<Option<usize>>;

/// Raised when an element matches more than one element on an adjacent slide.
#[derive(Debug, Clone, Copy, PartialEq, Eq)]
pub enum GlueError {
    TooManyMatches,
}

/// A track that may still be extended: the ID its newest element passes on to the
/// next slide, and its entries so far.
pub struct GluingTrack {
    pub current_to_id: Option<InterpId>,
    pub elements: Vec<Option<usize>>,
}

/// The abstract value of a track that may still be extended.
pub type ActiveView = (Option<IdView>, Seq<Option<usize>>);

pub open spec fn active_view(a: Seq<GluingTrack>) -> Seq<ActiveView> {
    a.map_values(|t: GluingTrack| (opt_id_view(t.current_to_id), t.elements@))
}

pub open spec fn tracks_view(v: Seq<Track>) -> Seq<Seq<Option<usize>>> {
    v.map_values(|t: Track| t@)
}

/// The IDs of every temporal element of every slide.
pub open spec fn slides_view(v: Seq<Vec<TemporalInterpId>>) -> Seq<Seq<PairView>> {
    v.map_values(|s: Vec<TemporalInterpId>| s@.map_values(|p: TemporalInterpId| p@))
}

/// How many of the first `k` open tracks hand on the ID that `from` asks for.
pub open spec fn count_prev(active: Seq<ActiveView>, from: Option<IdView>, k: int) -> nat
    decreases k,
{
    if k <= 0 {
        0
    } else {
        count_prev(active, from, k - 1) + (if ids_link(active[k - 1].0, from) {
            1nat
        } else {
            0nat
        })
    }
}

/// How many of the first `k` elements of a slide ask for the ID `to`.
pub open spec fn count_next(slide: Seq<PairView>, to: Option<IdView>, k: int) -> nat
    decreases k,
{
    if k <= 0 {
        0
    } else {
        count_next(slide, to, k - 1) + (if ids_link(to, slide[k - 1].0) {
            1nat
        } else {
            0nat
        })
    }
}

/// The last of the first `k` elements of a slide that asks for the ID `to`, or -1.
pub open spec fn last_next(slide: Seq<PairView>, to: Option<IdView>, k: int) -> int
    decreases k,
{
    if k <= 0 {
        -1
    } else if ids_link(to, slide[k - 1].0) {
        k - 1
    } else {
        last_next(slide, to, k - 1)
    }
}

/// No element of the slide matches two open tracks, and no open track matches two
/// elements of the slide.
pub open spec fn step_ok(active: Seq<ActiveView>, slide: Seq<PairView>) -> bool {
    &&& forall|e: int| 0 <= e < slide.len() ==> count_prev(active, #[trigger] slide[e].0, active.len() as int) <= 1
    &&& forall|a: int| 0 <= a < active.len() ==> count_next(slide, #[trigger] active[a].0, slide.len() as int) <= 1
}

/// `i` empty entries followed by the element `e`.
pub open spec fn fresh_track(i: nat, e: int) -> Seq<Option<usize>> {
    Seq::new(i, |_j: int| None::<usize>).push(Some(e as usize))
}

/// Tracks started by the first `k` elements of slide `i` that continue no open track.
pub open spec fn new_tracks(active: Seq<ActiveView>, slide: Seq<PairView>, i: nat, k: int) -> Seq<
    ActiveView,
>
    decreases k,
{
    if k <= 0 {
        Seq::empty()
    } else {
        new_tracks(active, slide, i, k - 1) + if count_prev(
            active,
            slide[k - 1].0,
            active.len() as int,
        ) == 0 {
            seq![(slide[k - 1].1, fresh_track(i, k - 1))]
        } else {
            Seq::empty()
        }
    }
}

/// The first `k` open tracks that no element of the slide continues, closed off.
pub open spec fn ended(active: Seq<ActiveView>, slide: Seq<PairView>, k: int) -> Seq<
    Seq<Option<usize>>,
>
    decreases k,
{
    if k <= 0 {
        Seq::empty()
    } else {
        ended(active, slide, k - 1) + if count_next(slide, active[k - 1].0, slide.len() as int)
            == 0 {
            seq![active[k - 1].1.push(None)]
        } else {
            Seq::empty()
        }
    }
}

/// The first `k` open tracks that an element of the slide continues, extended by it.
pub open spec fn continued(active: Seq<ActiveView>, slide: Seq<PairView>, k: int) -> Seq<
    ActiveView,
>
    decreases k,
{
    if k <= 0 {
        Seq::empty()
    } else {
        continued(active, slide, k - 1) + if count_next(
            slide,
            active[k - 1].0,
            slide.len() as int,
        ) == 1 {
            let j = last_next(slide, active[k - 1].0, slide.len() as int);
            seq![(slide[j].1, active[k - 1].1.push(Some(j as usize)))]
        } else {
            Seq::empty()
        }
    }
}

/// Closed tracks get an empty entry for the new slide.
pub open spec fn pad_tracks(finished: Seq<Seq<Option<usize>>>) -> Seq<Seq<Option<usize>>> {
    finished.map_values(|t: Seq<Option<usize>>| t.push(None))
}

/// The closed and the open tracks after the first `i` slides, or `None` when an
/// element matched too many others on the way.
pub open spec fn glue_upto(slides: Seq<Seq<PairView>>, i: int) -> Option<
    (Seq<Seq<Option<usize>>>, Seq<ActiveView>),
>
    decreases i,
{
    if i <= 0 {
        Some((Seq::empty(), Seq::empty()))
    } else {
        match glue_upto(slides, i - 1) {
            None => None,
            Some((finished, active)) => {
                let slide = slides[i - 1];
                if step_ok(active, slide) {
                    Some(
                        (
                            pad_tracks(finished) + ended(active, slide, active.len() as int),
                            new_tracks(active, slide, (i - 1) as nat, slide.len() as int)
                                + continued(active, slide, active.len() as int),
                        ),
                    )
                } else {
                    None
                }
            },
        }
    }
}

/// All tracks of a slideshow: the closed ones in the order they closed, then the
/// ones still open after the last slide.
pub open spec fn glue_spec(slides: Seq<Seq<PairView>>) -> Option<Seq<Seq<Option<usize>>>> {
    match glue_upto(slides, slides.len() as int) {
        None => None,
        Some((finished, active)) => Some(finished + active.map_values(|a: ActiveView| a.1)),
    }
}

/// Once gluing has failed it stays failed.
proof fn lemma_glue_upto_stays_failed(slides: Seq<Seq<PairView>>, i: int, j: int)
    requires
        i <= j,
        glue_upto(slides, i) is None,
    ensures
        glue_upto(slides, j) is None,
    decreases j - i,
{
    if i < j {
        lemma_glue_upto_stays_failed(slides, i, j - 1);
    }
}

fn count_prev_exec(active: &Vec<GluingTrack>, from: &Option<InterpId>) -> (c: usize)
    ensures
        c == count_prev(active_view(active@), opt_id_view(*from), active@.len() as int),
{
    let n = active.len();
    let mut c: usize = 0;
    let mut k: usize = 0;
    while k < n
        invariant
            n == active@.len(),
            0 <= k <= n,
            c <= k,
            c == count_prev(active_view(active@), opt_id_view(*from), k as int),
        decreases n - k,
    {
        if opt_ids_link(&active[k].current_to_id, from) {
            c = c + 1;
        }
        k = k + 1;
    }
    c
}

fn count_next_exec(slide: &Vec<TemporalInterpId>, to: &Option<InterpId>) -> (r: (usize, usize))
    ensures
        r.0 == count_next(slide@.map_values(|p: TemporalInterpId| p@), opt_id_view(*to), slide@.len() as int),
        r.0 > 0 ==> r.1 as int == last_next(slide@.map_values(|p: TemporalInterpId| p@), opt_id_view(*to), slide@.len() as int),
        r.0 > 0 ==> r.1 < slide@.len(),
{
    let ghost sv = slide@.map_values(|p: TemporalInterpId| p@);
    let n = slide.len();
    let mut c: usize = 0;
    let mut last: usize = 0;
    let mut k: usize = 0;
    while k < n
        invariant
            n == slide@.len(),
            sv == slide@.map_values(|p: TemporalInterpId| p@),
            0 <= k <= n,
            c <= k,
            c == count_next(sv, opt_id_view(*to), k as int),
            c > 0 ==> last as int == last_next(sv, opt_id_view(*to), k as int),
            c > 0 ==> last < k,
            c == 0 ==> last_next(sv, opt_id_view(*to), k as int) == -1,
        decreases n - k,
    {
        if opt_ids_link(to, &slide[k].from) {
            c = c + 1;
            last = k;
        }
        k = k + 1;
    }
    (c, last)
}

/// Processes one slide: fails when an element matches two open tracks or an open
/// track matches two elements; otherwise closes the tracks that nothing continues
/// (into `finished`) and returns the new open tracks: first the ones started by
/// unmatched elements of the slide, then the continued ones.
fn glue_step(
    finished: &mut Vec<Track>,
    active: Vec<GluingTrack>,
    slide: &Vec<TemporalInterpId>,
    i: usize,
) -> (r: Result<Vec<GluingTrack>, GlueError>)
    ensures
        step_ok(active_view(active@), slide@.map_values(|p: TemporalInterpId| p@)) <==> r is Ok,
        r is Err ==> final(finished)@ == old(finished)@,
        r matches Ok(next) ==> {
            &&& tracks_view(final(finished)@) == pad_tracks(tracks_view(old(finished)@)) + ended(
                active_view(active@),
                slide@.map_values(|p: TemporalInterpId| p@),
                active@.len() as int,
            )
            &&& active_view(next@) == new_tracks(
                active_view(active@),
                slide@.map_values(|p: TemporalInterpId| p@),
                i as nat,
                slide@.len() as int,
            ) + continued(
                active_view(active@),
                slide@.map_values(|p: TemporalInterpId| p@),
                active@.len() as int,
            )
        },
{
    let ghost av = active_view(active@);
    let ghost sv = slide@.map_values(|p: TemporalInterpId| p@);
    let ns = slide.len();
    let na = active.len();

    // how many open tracks each element of the slide continues
    let mut prev_counts: Vec<usize> = Vec::new();
    let mut e: usize = 0;
    while e < ns
        invariant
            ns == slide@.len(),
            na == active@.len(),
            av == active_view(active@),
            sv == slide@.map_values(|p: TemporalInterpId| p@),
            0 <= e <= ns,
            prev_counts@.len() == e,
            forall|x: int| 0 <= x < e ==> #[trigger] prev_counts@[x] as int == count_prev(av, sv[x].0, na as int),
            forall|x: int| 0 <= x < e ==> count_prev(av, #[trigger] sv[x].0, na as int) <= 1,
        decreases ns - e,
    {
        let c = count_prev_exec(&active, &slide[e].from);
        if c >= 2 {
            assert(sv[e as int].0 == opt_id_view(slide@[e as int].from));
            assert(!step_ok(av, sv));
            return Err(GlueError::TooManyMatches);
        }
        prev_counts.push(c);
        e = e + 1;
    }

    // how many elements of the slide continue each open track, and which
    let mut next_counts: Vec<(usize, usize)> = Vec::new();
    let mut a: usize = 0;
    while a < na
        invariant
            ns == slide@.len(),
            na == active@.len(),
            av == active_view(active@),
            sv == slide@.map_values(|p: TemporalInterpId| p@),
            0 <= a <= na,
            next_counts@.len() == a,
            forall|x: int| 0 <= x < ns ==> count_prev(av, #[trigger] sv[x].0, na as int) <= 1,
            forall|x: int| 0 <= x < a ==> #[trigger] next_counts@[x].0 as int == count_next(sv, av[x].0, ns as int),
            forall|x: int| 0 <= x < a ==> count_next(sv, #[trigger] av[x].0, ns as int) <= 1,
            forall|x: int| 0 <= x < a && next_counts@[x].0 > 0 ==> #[trigger] next_counts@[x].1 as int == last_next(sv, av[x].0, ns as int),
            forall|x: int| 0 <= x < a && next_counts@[x].0 > 0 ==> #[trigger] next_counts@[x].1 < ns,
        decreases na - a,
    {
        let r = count_next_exec(slide, &active[a].current_to_id);
        if r.0 >= 2 {
            assert(av[a as int].0 == opt_id_view(active@[a as int].current_to_id));
            assert(!step_ok(av, sv));
            return Err(GlueError::TooManyMatches);
        }
        next_counts.push(r);
        a = a + 1;
    }
    assert(step_ok(av, sv));

    // every closed track gets an empty entry for this slide
    let ghost old_finished = tracks_view(finished@);
    let nf = finished.len();
    let mut k: usize = 0;
    while k < nf
        invariant
            nf == finished@.len(),
            old_finished.len() == nf,
            0 <= k <= nf,
            forall|j: int| 0 <= j < k ==> #[trigger] finished@[j]@ == old_finished[j].push(None),
            forall|j: int| k <= j < nf ==> #[trigger] finished@[j]@ == old_finished[j],
        decreases nf - k,
    {
        finished[k].push(None);
        k = k + 1;
    }
    assert(tracks_view(finished@) =~= pad_tracks(old_finished));

    // tracks started by elements that continue nothing
    let mut next: Vec<GluingTrack> = Vec::new();
    let mut e: usize = 0;
    while e < ns
        invariant
            ns == slide@.len(),
            na == active@.len(),
            av == active_view(active@),
            sv == slide@.map_values(|p: TemporalInterpId| p@),
            prev_counts@.len() == ns,
            forall|x: int| 0 <= x < ns ==> #[trigger] prev_counts@[x] as int == count_prev(av, sv[x].0, na as int),
            0 <= e <= ns,
            active_view(next@) == new_tracks(av, sv, i as nat, e as int),
        decreases ns - e,
    {
        if prev_counts[e] == 0 {
            let mut elements: Vec<Option<usize>> = Vec::new();
            let mut j: usize = 0;
            while j < i
                invariant
                    0 <= j <= i,
                    elements@ == Seq::new(j as nat, |_j: int| None::<usize>),
                decreases i - j,
            {
                elements.push(None);
                j = j + 1;
                assert(elements@ =~= Seq::new(j as nat, |_j: int| None::<usize>));
            }
            elements.push(Some(e));
            assert(elements@ =~= fresh_track(i as nat, e as int));
            let track = GluingTrack { current_to_id: duplicate_opt_id(&slide[e].to), elements };
            next.push(track);
        }
        e = e + 1;
        assert(active_view(next@) =~= new_tracks(av, sv, i as nat, e as int));
    }
    let ghost started = active_view(next@);

    // extend or close every open track
    let ghost orig_active = active@;
    let mut rest = active;
    let ghost fin_before = tracks_view(finished@);
    let mut a: usize = 0;
    while a < na
        invariant
            ns == slide@.len(),
            na == av.len(),
            sv == slide@.map_values(|p: TemporalInterpId| p@),
            0 <= a <= na,
            av == active_view(orig_active),
            rest@ == orig_active.subrange(a as int, na as int),
            next_counts@.len() == na,
            forall|x: int| 0 <= x < na ==> #[trigger] next_counts@[x].0 as int == count_next(sv, av[x].0, ns as int),
            forall|x: int| 0 <= x < na && next_counts@[x].0 > 0 ==> #[trigger] next_counts@[x].1 as int == last_next(sv, av[x].0, ns as int),
            forall|x: int| 0 <= x < na && next_counts@[x].0 > 0 ==> #[trigger] next_counts@[x].1 < ns,
            forall|x: int| 0 <= x < na ==> next_counts@[x].0 <= 1,
            forall|x: int| 0 <= x < na ==> count_next(sv, #[trigger] av[x].0, ns as int) <= 1,
            tracks_view(finished@) == fin_before + ended(av, sv, a as int),
            active_view(next@) == started + continued(av, sv, a as int),
        decreases na - a,
    {
        let track = rest.remove(0);
        assert(rest@ =~= orig_active.subrange(a as int + 1, na as int));
        assert(track == orig_active[a as int]);
        let (c, j) = next_counts[a];
        assert(c <= 1);
        assert(av[a as int] == (opt_id_view(track.current_to_id), track.elements@));
        let ghost prev_fin = tracks_view(finished@);
        let ghost prev_next = active_view(next@);
        if c == 0 {
            let mut elements = track.elements;
            elements.push(None);
            finished.push(elements);
            assert(tracks_view(finished@) =~= prev_fin.push(av[a as int].1.push(None)));
            assert(ended(av, sv, a as int + 1) == ended(av, sv, a as int) + seq![av[a as int].1.push(None)]);
            assert(continued(av, sv, a as int + 1) == continued(av, sv, a as int));
        } else {
            let mut elements = track.elements;
            elements.push(Some(j));
            assert(sv[j as int] == slide@[j as int]@);
            let t = GluingTrack { current_to_id: duplicate_opt_id(&slide[j].to), elements };
            next.push(t);
            assert(active_view(next@) =~= prev_next.push((sv[j as int].1, av[a as int].1.push(Some(j)))));
            assert(ended(av, sv, a as int + 1) == ended(av, sv, a as int));
            assert(continued(av, sv, a as int + 1) == continued(av, sv, a as int) + seq![(sv[j as int].1, av[a as int].1.push(Some(j)))]);
        }
        a = a + 1;
        assert(tracks_view(finished@) =~= fin_before + ended(av, sv, a as int));
        assert(active_view(next@) =~= started + continued(av, sv, a as int));
    }
    Ok(next)
}

/// Glues the temporal elements of consecutive slides into tracks: an element whose
/// `from` ID equals the `to` ID of an element on the previous slide continues that
/// element's track; every other element starts a new track. Fails when an element
/// matches more than one element of an adjacent slide.
pub fn glue_tracks(slides: &Vec<Vec<TemporalInterpId>>) -> (r: Result<Vec<Track>, GlueError>)
    ensures
        match glue_spec(slides_view(slides@)) {
            None => r is Err,
            Some(t) => r matches Ok(v) && tracks_view(v@) == t,
        },
{
    let ghost sv = slides_view(slides@);
    let n = slides.len();
    let mut finished: Vec<Track> = Vec::new();
    let mut active: Vec<GluingTrack> = Vec::new();
    let mut i: usize = 0;
    assert(tracks_view(finished@) =~= Seq::<Seq<Option<usize>>>::empty());
    assert(active_view(active@) =~= Seq::<ActiveView>::empty());
    while i < n
        invariant
            n == slides@.len(),
            sv == slides_view(slides@),
            0 <= i <= n,
            glue_upto(sv, i as int) == Some((tracks_view(finished@), active_view(active@))),
        decreases n - i,
    {
        assert(sv[i as int] == slides@[i as int]@.map_values(|p: TemporalInterpId| p@));
        match glue_step(&mut finished, active, &slides[i], i) {
            Ok(next) => {
                active = next;
            },
            Err(err) => {
                proof {
                    lemma_glue_upto_stays_failed(sv, i as int + 1, n as int);
                }
                return Err(err);
            },
        }
        i = i + 1;
    }
    let ghost fin = tracks_view(finished@);
    let ghost act = active_view(active@);
    let ghost orig_active = active@;
    let na = active.len();
    let mut rest = active;
    let mut a: usize = 0;
    while a < na
        invariant
            0 <= a <= na,
            na == act.len(),
            act == active_view(orig_active),
            rest@ == orig_active.subrange(a as int, na as int),
            tracks_view(finished@) == fin + act.subrange(0, a as int).map_values(|x: ActiveView| x.1),
        decreases na - a,
    {
        let track = rest.remove(0);
        assert(rest@ =~= orig_active.subrange(a as int + 1, na as int));
        assert(track == orig_active[a as int]);
        let ghost prev_fin = tracks_view(finished@);
        finished.push(track.elements);
        assert(tracks_view(finished@) =~= prev_fin.push(act[a as int].1));
        assert(act.subrange(0, a as int + 1).map_values(|x: ActiveView| x.1) =~= act.subrange(0, a as int).map_values(|x: ActiveView| x.1).push(act[a as int].1));
        a = a + 1;
        assert(tracks_view(finished@) =~= fin + act.subrange(0, a as int).map_values(|x: ActiveView| x.1));
    }
    assert(act.subrange(0, na as int) =~= act);
    Ok(finished)
}

} // verus!
